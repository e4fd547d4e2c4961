//! The raw-log decoder: recognises the three Verbeth event signatures and
//! decodes the ABI-encoded topic and data words into typed events.
//!
//! The layout accepted is the canonical ABI encoding of each event: head
//! words in field order, dynamic `bytes` fields as offset words pointing at
//! length-prefixed, zero-padded tails laid out in order. Encoders for the
//! same layout are provided so synthetic logs can be built and the decoder
//! is provably their inverse.

use vstd::prelude::*;

use crate::events::VerbethEvent;

verus! {

/// A raw chain log: its 32-byte topic words and its ABI-encoded data.
#[derive(Clone, Debug)]
pub struct RawLog {
    pub topics: Vec<[u8; 32]>,
    pub data: Vec<u8>,
}

/// The topic words as mathematical byte strings.
pub open spec fn topics_view(topics: Seq<[u8; 32]>) -> Seq<Seq<u8>> {
    Seq::new(topics.len(), |i: int| topics[i]@)
}

/// keccak-256 of `MessageSent(address,bytes,uint256,bytes32,uint256)`.
pub open spec fn spec_message_sent_sig() -> Seq<u8> {
    seq![
        0x12u8, 0x8b, 0x72, 0x68, 0x59, 0x68, 0xe7, 0x09, 0x48, 0xfe, 0xcc, 0x27, 0x39, 0x5c,
        0xe5, 0x8e, 0x60, 0x18, 0xbf, 0x4d, 0xce, 0xcb, 0x7c, 0x7d, 0x4f, 0x0a, 0x6a, 0x28,
        0x5d, 0x7d, 0x45, 0xf6,
    ]
}

/// keccak-256 of `Handshake(bytes32,address,bytes,bytes,bytes)`.
pub open spec fn spec_handshake_sig() -> Seq<u8> {
    seq![
        0x4bu8, 0xc6, 0x50, 0x9d, 0xa7, 0xc1, 0xb6, 0x12, 0x04, 0xb0, 0x9f, 0x5a, 0x69, 0x0d,
        0xba, 0x4a, 0xac, 0xbb, 0x82, 0x68, 0x1f, 0x0c, 0xbf, 0x3c, 0xa9, 0x5d, 0x10, 0xfe,
        0x50, 0x0e, 0x65, 0xd5,
    ]
}

/// keccak-256 of `HandshakeResponse(bytes32,address,bytes32,bytes)`.
pub open spec fn spec_hsr_sig() -> Seq<u8> {
    seq![
        0x89u8, 0xa4, 0xdd, 0x66, 0xa8, 0x5f, 0x66, 0xc2, 0x23, 0xc3, 0x76, 0x26, 0x30, 0x9b,
        0xbd, 0x31, 0x57, 0x52, 0x9d, 0xdc, 0x06, 0x39, 0x1a, 0x1f, 0x87, 0xe0, 0x16, 0x5b,
        0xb2, 0x93, 0xde, 0x46,
    ]
}

/// keccak-256 of `MessageSent(address,bytes,uint256,bytes32,uint256)`.
pub fn message_sent_signature() -> (r: [u8; 32])
    ensures
        r@ == spec_message_sent_sig(),
{
    let r: [u8; 32] = [
        0x12u8, 0x8b, 0x72, 0x68, 0x59, 0x68, 0xe7, 0x09, 0x48, 0xfe, 0xcc, 0x27, 0x39, 0x5c,
        0xe5, 0x8e, 0x60, 0x18, 0xbf, 0x4d, 0xce, 0xcb, 0x7c, 0x7d, 0x4f, 0x0a, 0x6a, 0x28,
        0x5d, 0x7d, 0x45, 0xf6,
    ];
    proof {
        assert(r@ =~= spec_message_sent_sig());
    }
    r
}

/// keccak-256 of `Handshake(bytes32,address,bytes,bytes,bytes)`.
pub fn handshake_signature() -> (r: [u8; 32])
    ensures
        r@ == spec_handshake_sig(),
{
    let r: [u8; 32] = [
        0x4bu8, 0xc6, 0x50, 0x9d, 0xa7, 0xc1, 0xb6, 0x12, 0x04, 0xb0, 0x9f, 0x5a, 0x69, 0x0d,
        0xba, 0x4a, 0xac, 0xbb, 0x82, 0x68, 0x1f, 0x0c, 0xbf, 0x3c, 0xa9, 0x5d, 0x10, 0xfe,
        0x50, 0x0e, 0x65, 0xd5,
    ];
    proof {
        assert(r@ =~= spec_handshake_sig());
    }
    r
}

/// keccak-256 of `HandshakeResponse(bytes32,address,bytes32,bytes)`.
pub fn hsr_signature() -> (r: [u8; 32])
    ensures
        r@ == spec_hsr_sig(),
{
    let r: [u8; 32] = [
        0x89u8, 0xa4, 0xdd, 0x66, 0xa8, 0x5f, 0x66, 0xc2, 0x23, 0xc3, 0x76, 0x26, 0x30, 0x9b,
        0xbd, 0x31, 0x57, 0x52, 0x9d, 0xdc, 0x06, 0x39, 0x1a, 0x1f, 0x87, 0xe0, 0x16, 0x5b,
        0xb2, 0x93, 0xde, 0x46,
    ];
    proof {
        assert(r@ =~= spec_hsr_sig());
    }
    r
}

/// Big-endian byte `j` (0 = most significant) of a 64-bit value.
pub open spec fn u64_byte(x: u64, j: int) -> u8 {
    ((x >> (((7 - j) * 8) as u64)) & 0xff) as u8
}

/// The 32-byte word at offset `off` of `data` is the ABI encoding of the
/// 64-bit value `x`: 24 zero bytes, then `x` big-endian.
pub open spec fn word_is_u64(data: Seq<u8>, off: int, x: u64) -> bool {
    &&& off + 32 <= data.len()
    &&& forall|j: int| 0 <= j < 24 ==> #[trigger] data[off + j] == 0
    &&& forall|j: int| 0 <= j < 8 ==> #[trigger] data[off + 24 + j] == u64_byte(x, j)
}

/// The 32-byte word at offset `off` of `data` is the byte string `w`.
pub open spec fn word_is_bytes32(data: Seq<u8>, off: int, w: Seq<u8>) -> bool {
    &&& off + 32 <= data.len()
    &&& w.len() == 32
    &&& forall|j: int| 0 <= j < 32 ==> #[trigger] data[off + j] == w[j]
}

/// Topic word `w` is the ABI encoding of the 20-byte address `a`: 12 zero
/// bytes, then the address.
pub open spec fn topic_is_address(w: Seq<u8>, a: Seq<u8>) -> bool {
    &&& w.len() == 32
    &&& a.len() == 20
    &&& forall|j: int| 0 <= j < 12 ==> #[trigger] w[j] == 0
    &&& forall|j: int| 0 <= j < 20 ==> #[trigger] w[12 + j] == a[j]
}

/// Length of `n` bytes padded up to a whole number of 32-byte words.
pub open spec fn pad32(n: int) -> int {
    ((n + 31) / 32) * 32
}

/// The tail at offset `off` of `data` is the ABI encoding of the dynamic
/// byte string `b`: a length word, the bytes, and zero padding to a word
/// boundary.
pub open spec fn bytes_at(data: Seq<u8>, off: int, b: Seq<u8>) -> bool {
    &&& word_is_u64(data, off, b.len() as u64)
    &&& b.len() <= u64::MAX
    &&& off + 32 + pad32(b.len() as int) <= data.len()
    &&& forall|j: int| 0 <= j < b.len() ==> #[trigger] data[off + 32 + j] == b[j]
    &&& forall|j: int| b.len() <= j < pad32(b.len() as int) ==> #[trigger] data[off + 32 + j] == 0
}

/// Two words encoding 64-bit values at the same offset encode the same
/// value.
proof fn lemma_word_u64_unique(data: Seq<u8>, off: int, x: u64, y: u64)
    requires
        word_is_u64(data, off, x),
        word_is_u64(data, off, y),
    ensures
        x == y,
{
    assert forall|j: int| 0 <= j < 8 implies u64_byte(x, j) == u64_byte(y, j) by {
        assert(data[off + 24 + j] == u64_byte(x, j));
        assert(data[off + 24 + j] == u64_byte(y, j));
    }
    assert(u64_byte(x, 0) == u64_byte(y, 0));
    assert(u64_byte(x, 1) == u64_byte(y, 1));
    assert(u64_byte(x, 2) == u64_byte(y, 2));
    assert(u64_byte(x, 3) == u64_byte(y, 3));
    assert(u64_byte(x, 4) == u64_byte(y, 4));
    assert(u64_byte(x, 5) == u64_byte(y, 5));
    assert(u64_byte(x, 6) == u64_byte(y, 6));
    assert(u64_byte(x, 7) == u64_byte(y, 7));
    assert(x == y) by (bit_vector)
        requires
            ((x >> 56u64) & 0xff) as u8 == ((y >> 56u64) & 0xff) as u8,
            ((x >> 48u64) & 0xff) as u8 == ((y >> 48u64) & 0xff) as u8,
            ((x >> 40u64) & 0xff) as u8 == ((y >> 40u64) & 0xff) as u8,
            ((x >> 32u64) & 0xff) as u8 == ((y >> 32u64) & 0xff) as u8,
            ((x >> 24u64) & 0xff) as u8 == ((y >> 24u64) & 0xff) as u8,
            ((x >> 16u64) & 0xff) as u8 == ((y >> 16u64) & 0xff) as u8,
            ((x >> 8u64) & 0xff) as u8 == ((y >> 8u64) & 0xff) as u8,
            ((x >> 0u64) & 0xff) as u8 == ((y >> 0u64) & 0xff) as u8,
    ;
}

/// Element-wise equality of two 32-byte words.
fn eq32(a: &[u8; 32], b: &[u8; 32]) -> (r: bool)
    ensures
        r == (a@ == b@),
{
    let mut i: usize = 0;
    while i < 32
        invariant
            i <= 32,
            forall|k: int| 0 <= k < i ==> a@[k] == b@[k],
        decreases 32 - i,
    {
        if a[i] != b[i] {
            assert(a@[i as int] != b@[i as int]);
            return false;
        }
        i += 1;
    }
    assert(a@ =~= b@);
    true
}

/// Read the 64-bit value encoded by the word at `off`, or report a byte
/// that makes the word exceed the 64-bit range.
fn read_word_u64(data: &Vec<u8>, off: usize) -> (r: Option<u64>)
    requires
        off + 32 <= data@.len(),
    ensures
        match r {
            Some(x) => word_is_u64(data@, off as int, x),
            None => exists|j: int| 0 <= j < 24 && #[trigger] data@[off + j] != 0,
        },
{
    let n: usize = data.len();
    let mut i: usize = 0;
    while i < 24
        invariant
            i <= 24,
            off + 32 <= data@.len(),
            data@.len() == n,
            forall|k: int| 0 <= k < i ==> #[trigger] data@[off + k] == 0,
        decreases 24 - i,
    {
        if data[off + i] != 0 {
            assert(data@[off + i] != 0);
            return None;
        }
        i += 1;
    }
    let b0 = data[off + 24];
    let b1 = data[off + 25];
    let b2 = data[off + 26];
    let b3 = data[off + 27];
    let b4 = data[off + 28];
    let b5 = data[off + 29];
    let b6 = data[off + 30];
    let b7 = data[off + 31];
    let x: u64 = ((b0 as u64) << 56u64) | ((b1 as u64) << 48u64) | ((b2 as u64) << 40u64) | ((
    b3 as u64) << 32u64) | ((b4 as u64) << 24u64) | ((b5 as u64) << 16u64) | ((b6 as u64)
        << 8u64) | (b7 as u64);
    proof {
        lemma_u64_of_bytes(x, b0, b1, b2, b3, b4, b5, b6, b7);
        assert forall|j: int| 0 <= j < 8 implies data@[off + 24 + j] == u64_byte(x, j) by {
            if j == 0 {
                assert(data@[off + 24] == b0);
            } else if j == 1 {
                assert(data@[off + 25] == b1);
            } else if j == 2 {
                assert(data@[off + 26] == b2);
            } else if j == 3 {
                assert(data@[off + 27] == b3);
            } else if j == 4 {
                assert(data@[off + 28] == b4);
            } else if j == 5 {
                assert(data@[off + 29] == b5);
            } else if j == 6 {
                assert(data@[off + 30] == b6);
            } else {
                assert(data@[off + 31] == b7);
            }
        }
    }
    Some(x)
}

/// The big-endian composition of eight bytes decomposes back into them.
proof fn lemma_u64_of_bytes(x: u64, b0: u8, b1: u8, b2: u8, b3: u8, b4: u8, b5: u8, b6: u8, b7: u8)
    requires
        x == ((b0 as u64) << 56u64) | ((b1 as u64) << 48u64) | ((b2 as u64) << 40u64) | ((
        b3 as u64) << 32u64) | ((b4 as u64) << 24u64) | ((b5 as u64) << 16u64) | ((b6 as u64)
            << 8u64) | (b7 as u64),
    ensures
        u64_byte(x, 0) == b0,
        u64_byte(x, 1) == b1,
        u64_byte(x, 2) == b2,
        u64_byte(x, 3) == b3,
        u64_byte(x, 4) == b4,
        u64_byte(x, 5) == b5,
        u64_byte(x, 6) == b6,
        u64_byte(x, 7) == b7,
{
    assert(((x >> 56u64) & 0xff) as u8 == b0 && ((x >> 48u64) & 0xff) as u8 == b1 && ((x
        >> 40u64) & 0xff) as u8 == b2 && ((x >> 32u64) & 0xff) as u8 == b3 && ((x >> 24u64)
        & 0xff) as u8 == b4 && ((x >> 16u64) & 0xff) as u8 == b5 && ((x >> 8u64) & 0xff) as u8
        == b6 && ((x >> 0u64) & 0xff) as u8 == b7) by (bit_vector)
        requires
            x == ((b0 as u64) << 56u64) | ((b1 as u64) << 48u64) | ((b2 as u64) << 40u64) | ((
            b3 as u64) << 32u64) | ((b4 as u64) << 24u64) | ((b5 as u64) << 16u64) | ((b6 as u64)
                << 8u64) | (b7 as u64),
    ;
}

/// Whether the word at `off` encodes exactly the 64-bit value `x`.
fn word_equals_u64(data: &Vec<u8>, off: usize, x: u64) -> (r: bool)
    requires
        off + 32 <= data@.len(),
    ensures
        r == word_is_u64(data@, off as int, x),
{
    match read_word_u64(data, off) {
        Some(y) => {
            if y == x {
                true
            } else {
                proof {
                    if word_is_u64(data@, off as int, x) {
                        lemma_word_u64_unique(data@, off as int, x, y);
                    }
                }
                false
            }
        }
        None => {
            proof {
                if word_is_u64(data@, off as int, x) {
                    let j = choose|j: int| 0 <= j < 24 && #[trigger] data@[off + j] != 0;
                    assert(data@[off + j] == 0);
                }
            }
            false
        }
    }
}

/// The log `(topics, data)` is the canonical encoding of a `MessageSent`
/// event with these fields.
pub open spec fn is_message_sent_log(
    topics: Seq<Seq<u8>>,
    data: Seq<u8>,
    sender: Seq<u8>,
    ciphertext: Seq<u8>,
    timestamp: u64,
    topic: Seq<u8>,
    nonce: u64,
) -> bool {
    &&& topics.len() == 3
    &&& topics[0] == spec_message_sent_sig()
    &&& topic_is_address(topics[1], sender)
    &&& topics[2] == topic
    &&& topic.len() == 32
    &&& data.len() == 128 + pad32(ciphertext.len() as int)
    &&& word_is_u64(data, 0, 96)
    &&& word_is_u64(data, 32, timestamp)
    &&& word_is_u64(data, 64, nonce)
    &&& bytes_at(data, 96, ciphertext)
}

/// The log `(topics, data)` is the canonical encoding of a `Handshake`
/// event with these fields.
pub open spec fn is_handshake_log(
    topics: Seq<Seq<u8>>,
    data: Seq<u8>,
    recipient_hash: Seq<u8>,
    sender: Seq<u8>,
    pub_keys: Seq<u8>,
    ephemeral_pub_key: Seq<u8>,
    plaintext_payload: Seq<u8>,
) -> bool {
    let off2 = 128 + pad32(pub_keys.len() as int);
    let off3 = off2 + 32 + pad32(ephemeral_pub_key.len() as int);
    &&& topics.len() == 3
    &&& topics[0] == spec_handshake_sig()
    &&& topics[1] == recipient_hash
    &&& recipient_hash.len() == 32
    &&& topic_is_address(topics[2], sender)
    &&& data.len() == off3 + 32 + pad32(plaintext_payload.len() as int)
    &&& off2 <= u64::MAX
    &&& off3 <= u64::MAX
    &&& word_is_u64(data, 0, 96)
    &&& word_is_u64(data, 32, off2 as u64)
    &&& word_is_u64(data, 64, off3 as u64)
    &&& bytes_at(data, 96, pub_keys)
    &&& bytes_at(data, off2, ephemeral_pub_key)
    &&& bytes_at(data, off3, plaintext_payload)
}

/// The log `(topics, data)` is the canonical encoding of a
/// `HandshakeResponse` event with these fields.
pub open spec fn is_hsr_log(
    topics: Seq<Seq<u8>>,
    data: Seq<u8>,
    in_response_to: Seq<u8>,
    responder: Seq<u8>,
    responder_ephemeral_r: Seq<u8>,
    ciphertext: Seq<u8>,
) -> bool {
    &&& topics.len() == 3
    &&& topics[0] == spec_hsr_sig()
    &&& topics[1] == in_response_to
    &&& in_response_to.len() == 32
    &&& topic_is_address(topics[2], responder)
    &&& responder_ephemeral_r.len() == 32
    &&& word_is_bytes32(data, 0, responder_ephemeral_r)
    &&& word_is_u64(data, 32, 64)
    &&& data.len() == 96 + pad32(ciphertext.len() as int)
    &&& bytes_at(data, 64, ciphertext)
}

/// The log `(topics, data)` is the canonical encoding of event `e`.
pub open spec fn spec_decodes_to(topics: Seq<Seq<u8>>, data: Seq<u8>, e: VerbethEvent) -> bool {
    match e {
        VerbethEvent::MessageSent { sender, ciphertext, timestamp, topic, nonce } =>
            is_message_sent_log(
            topics,
            data,
            sender@,
            ciphertext@,
            timestamp,
            topic@,
            nonce,
        ),
        VerbethEvent::Handshake {
            recipient_hash,
            sender,
            pub_keys,
            ephemeral_pub_key,
            plaintext_payload,
        } => is_handshake_log(
            topics,
            data,
            recipient_hash@,
            sender@,
            pub_keys@,
            ephemeral_pub_key@,
            plaintext_payload@,
        ),
        VerbethEvent::HandshakeResponse {
            in_response_to,
            responder,
            responder_ephemeral_r,
            ciphertext,
        } => is_hsr_log(
            topics,
            data,
            in_response_to@,
            responder@,
            responder_ephemeral_r@,
            ciphertext@,
        ),
    }
}

/// Padding rounds a non-negative length up by less than a whole word.
proof fn lemma_pad32_bounds(n: int)
    requires
        0 <= n,
    ensures
        n <= pad32(n) < n + 32,
{
}

/// The three event signatures are pairwise distinct.
proof fn lemma_sigs_distinct()
    ensures
        spec_message_sent_sig() != spec_handshake_sig(),
        spec_message_sent_sig() != spec_hsr_sig(),
        spec_handshake_sig() != spec_hsr_sig(),
{
    assert(spec_message_sent_sig()[0] == 0x12);
    assert(spec_handshake_sig()[0] == 0x4b);
    assert(spec_hsr_sig()[0] == 0x89);
}

/// Padded length of `n` bytes.
fn pad_len(n: usize) -> (r: usize)
    requires
        n + 31 <= usize::MAX,
    ensures
        r == pad32(n as int),
{
    (n + 31) / 32 * 32
}

/// Copy `len` bytes of `data` starting at `start`.
fn copy_range(data: &Vec<u8>, start: usize, len: usize) -> (r: Vec<u8>)
    requires
        start + len <= data@.len(),
    ensures
        r@.len() == len,
        forall|j: int| 0 <= j < len ==> #[trigger] r@[j] == data@[start + j],
{
    let n: usize = data.len();
    let mut r: Vec<u8> = Vec::new();
    let mut i: usize = 0;
    while i < len
        invariant
            i <= len,
            start + len <= data@.len(),
            data@.len() == n,
            r@.len() == i,
            forall|j: int| 0 <= j < i ==> #[trigger] r@[j] == data@[start + j],
        decreases len - i,
    {
        r.push(data[start + i]);
        i += 1;
    }
    r
}

/// Whether every byte of `data` in `[start, end)` is zero.
fn all_zero(data: &Vec<u8>, start: usize, end: usize) -> (r: bool)
    requires
        start <= end <= data@.len(),
    ensures
        r == forall|j: int| start <= j < end ==> #[trigger] data@[j] == 0,
{
    let n: usize = data.len();
    let mut i: usize = start;
    while i < end
        invariant
            start <= i <= end <= data@.len(),
            data@.len() == n,
            forall|j: int| start <= j < i ==> #[trigger] data@[j] == 0,
        decreases end - i,
    {
        if data[i] != 0 {
            assert(data@[i as int] != 0);
            return false;
        }
        i += 1;
    }
    true
}

/// Extract the address an ABI topic word encodes, or report the padding
/// byte that shows it encodes none.
fn topic_address(w: &[u8; 32]) -> (r: Option<[u8; 20]>)
    ensures
        match r {
            Some(a) => topic_is_address(w@, a@),
            None => forall|a: Seq<u8>| !topic_is_address(w@, a),
        },
{
    let mut i: usize = 0;
    while i < 12
        invariant
            i <= 12,
            forall|k: int| 0 <= k < i ==> #[trigger] w@[k] == 0,
        decreases 12 - i,
    {
        if w[i] != 0 {
            assert(w@[i as int] != 0);
            return None;
        }
        i += 1;
    }
    let mut a: [u8; 20] = [0u8; 20];
    let mut j: usize = 0;
    while j < 20
        invariant
            j <= 20,
            forall|k: int| 0 <= k < 12 ==> #[trigger] w@[k] == 0,
            forall|k: int| 0 <= k < j ==> #[trigger] a@[k] == w@[12 + k],
        decreases 20 - j,
    {
        a[j] = w[12 + j];
        j += 1;
    }
    Some(a)
}

/// Decode the data and topic words of a log whose signature topic is
/// `MessageSent`.
fn decode_message_sent(topics: &Vec<[u8; 32]>, data: &Vec<u8>) -> (r: Option<VerbethEvent>)
    requires
        topics@.len() == 3,
        topics_view(topics@)[0] == spec_message_sent_sig(),
    ensures
        match r {
            Some(e) => e is MessageSent && spec_decodes_to(topics_view(topics@), data@, e),
            None => forall|e: VerbethEvent|
                e is MessageSent ==> !#[trigger] spec_decodes_to(topics_view(topics@), data@, e),
        },
{
    let ghost tv = topics_view(topics@);
    let ghost dv = data@;
    let n: usize = data.len();
    if n < 128 {
        proof {
            assert forall|e: VerbethEvent| e is MessageSent implies !#[trigger] spec_decodes_to(
                tv,
                dv,
                e,
            ) by {
                if spec_decodes_to(tv, dv, e) {
                    match e {
                        VerbethEvent::MessageSent { ciphertext, .. } => {
                            lemma_pad32_bounds(ciphertext@.len() as int);
                        },
                        _ => {},
                    }
                }
            }
        }
        return None;
    }
    if !word_equals_u64(data, 0, 96) {
        proof {
            assert forall|e: VerbethEvent| e is MessageSent implies !#[trigger] spec_decodes_to(
                tv,
                dv,
                e,
            ) by {}
        }
        return None;
    }
    let ts: u64 = match read_word_u64(data, 32) {
        Some(x) => x,
        None => {
            proof {
                let j = choose|j: int| 0 <= j < 24 && #[trigger] dv[32 + j] != 0;
                assert forall|e: VerbethEvent| e is MessageSent
                    implies !#[trigger] spec_decodes_to(tv, dv, e) by {
                    if spec_decodes_to(tv, dv, e) {
                        match e {
                            VerbethEvent::MessageSent { timestamp, .. } => {
                                assert(dv[32 + j] == 0);
                            },
                            _ => {},
                        }
                    }
                }
            }
            return None;
        }
    };
    let nz: u64 = match read_word_u64(data, 64) {
        Some(x) => x,
        None => {
            proof {
                let j = choose|j: int| 0 <= j < 24 && #[trigger] dv[64 + j] != 0;
                assert forall|e: VerbethEvent| e is MessageSent
                    implies !#[trigger] spec_decodes_to(tv, dv, e) by {
                    if spec_decodes_to(tv, dv, e) {
                        match e {
                            VerbethEvent::MessageSent { nonce, .. } => {
                                assert(dv[64 + j] == 0);
                            },
                            _ => {},
                        }
                    }
                }
            }
            return None;
        }
    };
    let lw: u64 = match read_word_u64(data, 96) {
        Some(x) => x,
        None => {
            proof {
                let j = choose|j: int| 0 <= j < 24 && #[trigger] dv[96 + j] != 0;
                assert forall|e: VerbethEvent| e is MessageSent
                    implies !#[trigger] spec_decodes_to(tv, dv, e) by {
                    if spec_decodes_to(tv, dv, e) {
                        match e {
                            VerbethEvent::MessageSent { ciphertext, .. } => {
                                assert(dv[96 + j] == 0);
                            },
                            _ => {},
                        }
                    }
                }
            }
            return None;
        }
    };
    let avail: usize = n - 128;
    if lw > avail as u64 {
        proof {
            assert forall|e: VerbethEvent| e is MessageSent implies !#[trigger] spec_decodes_to(
                tv,
                dv,
                e,
            ) by {
                if spec_decodes_to(tv, dv, e) {
                    match e {
                        VerbethEvent::MessageSent { ciphertext, .. } => {
                            lemma_word_u64_unique(dv, 96, lw, ciphertext@.len() as u64);
                            lemma_pad32_bounds(ciphertext@.len() as int);
                        },
                        _ => {},
                    }
                }
            }
        }
        return None;
    }
    let l: usize = lw as usize;
    let pad: usize = pad_len(l);
    if pad != avail {
        proof {
            assert forall|e: VerbethEvent| e is MessageSent implies !#[trigger] spec_decodes_to(
                tv,
                dv,
                e,
            ) by {
                if spec_decodes_to(tv, dv, e) {
                    match e {
                        VerbethEvent::MessageSent { ciphertext, .. } => {
                            lemma_word_u64_unique(dv, 96, lw, ciphertext@.len() as u64);
                            lemma_pad32_bounds(ciphertext@.len() as int);
                        },
                        _ => {},
                    }
                }
            }
        }
        return None;
    }
    if !all_zero(data, 128 + l, n) {
        proof {
            let j0 = choose|j: int| 128 + l <= j < n && #[trigger] dv[j] != 0;
            assert forall|e: VerbethEvent| e is MessageSent implies !#[trigger] spec_decodes_to(
                tv,
                dv,
                e,
            ) by {
                if spec_decodes_to(tv, dv, e) {
                    match e {
                        VerbethEvent::MessageSent { ciphertext, .. } => {
                            lemma_word_u64_unique(dv, 96, lw, ciphertext@.len() as u64);
                            assert(dv[96 + 32 + (j0 - 128)] == 0);
                        },
                        _ => {},
                    }
                }
            }
        }
        return None;
    }
    let sender: [u8; 20] = match topic_address(&topics[1]) {
        Some(a) => a,
        None => {
            proof {
                assert(tv[1] == topics@[1]@);
                assert forall|e: VerbethEvent| e is MessageSent
                    implies !#[trigger] spec_decodes_to(tv, dv, e) by {}
            }
            return None;
        }
    };
    let ciphertext = copy_range(data, 128, l);
    let topic: [u8; 32] = topics[2];
    let e = VerbethEvent::MessageSent { sender, ciphertext, timestamp: ts, topic, nonce: nz };
    proof {
        assert(tv[1] == topics@[1]@);
        assert(tv[2] == topics@[2]@);
        match &e {
            VerbethEvent::MessageSent { sender: s2, ciphertext: ct2, timestamp, topic: t2, nonce } => {
                assert(ct2@.len() == l);
                assert(lw == l as u64);
                assert(word_is_u64(dv, 96, ct2@.len() as u64));
                assert(bytes_at(dv, 96, ct2@));
                assert(is_message_sent_log(tv, dv, s2@, ct2@, *timestamp, t2@, *nonce));
            },
            _ => {},
        }
    }
    Some(e)
}

/// Copy the 32-byte word at `off`.
fn read_bytes32(data: &Vec<u8>, off: usize) -> (r: [u8; 32])
    requires
        off + 32 <= data@.len(),
    ensures
        word_is_bytes32(data@, off as int, r@),
{
    let n: usize = data.len();
    let mut r: [u8; 32] = [0u8; 32];
    let mut j: usize = 0;
    while j < 32
        invariant
            j <= 32,
            off + 32 <= data@.len(),
            data@.len() == n,
            forall|k: int| 0 <= k < j ==> #[trigger] r@[k] == data@[off + k],
        decreases 32 - j,
    {
        r[j] = data[off + j];
        j += 1;
    }
    assert forall|k: int| 0 <= k < 32 implies #[trigger] data@[off + k] == r@[k] by {}
    r
}

/// Decode the data and topic words of a log whose signature topic is
/// `HandshakeResponse`.
fn decode_hsr(topics: &Vec<[u8; 32]>, data: &Vec<u8>) -> (r: Option<VerbethEvent>)
    requires
        topics@.len() == 3,
        topics_view(topics@)[0] == spec_hsr_sig(),
    ensures
        match r {
            Some(e) => e is HandshakeResponse && spec_decodes_to(topics_view(topics@), data@, e),
            None => forall|e: VerbethEvent|
                e is HandshakeResponse ==> !#[trigger] spec_decodes_to(
                    topics_view(topics@),
                    data@,
                    e,
                ),
        },
{
    let ghost tv = topics_view(topics@);
    let ghost dv = data@;
    let n: usize = data.len();
    if n < 96 {
        proof {
            assert forall|e: VerbethEvent| e is HandshakeResponse
                implies !#[trigger] spec_decodes_to(tv, dv, e) by {
                if spec_decodes_to(tv, dv, e) {
                    match &e {
                        VerbethEvent::HandshakeResponse { ciphertext, .. } => {
                            lemma_pad32_bounds(ciphertext@.len() as int);
                        },
                        _ => {},
                    }
                }
            }
        }
        return None;
    }
    let responder_ephemeral_r = read_bytes32(data, 0);
    if !word_equals_u64(data, 32, 64) {
        proof {
            assert forall|e: VerbethEvent| e is HandshakeResponse
                implies !#[trigger] spec_decodes_to(tv, dv, e) by {}
        }
        return None;
    }
    let lw: u64 = match read_word_u64(data, 64) {
        Some(x) => x,
        None => {
            proof {
                let j = choose|j: int| 0 <= j < 24 && #[trigger] dv[64 + j] != 0;
                assert forall|e: VerbethEvent| e is HandshakeResponse
                    implies !#[trigger] spec_decodes_to(tv, dv, e) by {
                    if spec_decodes_to(tv, dv, e) {
                        match &e {
                            VerbethEvent::HandshakeResponse { ciphertext, .. } => {
                                assert(dv[64 + j] == 0);
                            },
                            _ => {},
                        }
                    }
                }
            }
            return None;
        }
    };
    let avail: usize = n - 96;
    if lw > avail as u64 {
        proof {
            assert forall|e: VerbethEvent| e is HandshakeResponse
                implies !#[trigger] spec_decodes_to(tv, dv, e) by {
                if spec_decodes_to(tv, dv, e) {
                    match &e {
                        VerbethEvent::HandshakeResponse { ciphertext, .. } => {
                            lemma_word_u64_unique(dv, 64, lw, ciphertext@.len() as u64);
                            lemma_pad32_bounds(ciphertext@.len() as int);
                        },
                        _ => {},
                    }
                }
            }
        }
        return None;
    }
    let l: usize = lw as usize;
    let pad: usize = pad_len(l);
    if pad != avail {
        proof {
            assert forall|e: VerbethEvent| e is HandshakeResponse
                implies !#[trigger] spec_decodes_to(tv, dv, e) by {
                if spec_decodes_to(tv, dv, e) {
                    match &e {
                        VerbethEvent::HandshakeResponse { ciphertext, .. } => {
                            lemma_word_u64_unique(dv, 64, lw, ciphertext@.len() as u64);
                            lemma_pad32_bounds(ciphertext@.len() as int);
                        },
                        _ => {},
                    }
                }
            }
        }
        return None;
    }
    if !all_zero(data, 96 + l, n) {
        proof {
            let j0 = choose|j: int| 96 + l <= j < n && #[trigger] dv[j] != 0;
            assert forall|e: VerbethEvent| e is HandshakeResponse
                implies !#[trigger] spec_decodes_to(tv, dv, e) by {
                if spec_decodes_to(tv, dv, e) {
                    match &e {
                        VerbethEvent::HandshakeResponse { ciphertext, .. } => {
                            lemma_word_u64_unique(dv, 64, lw, ciphertext@.len() as u64);
                            assert(dv[64 + 32 + (j0 - 96)] == 0);
                        },
                        _ => {},
                    }
                }
            }
        }
        return None;
    }
    let responder: [u8; 20] = match topic_address(&topics[2]) {
        Some(a) => a,
        None => {
            proof {
                assert(tv[2] == topics@[2]@);
                assert forall|e: VerbethEvent| e is HandshakeResponse
                    implies !#[trigger] spec_decodes_to(tv, dv, e) by {}
            }
            return None;
        }
    };
    let ciphertext = copy_range(data, 96, l);
    let in_response_to: [u8; 32] = topics[1];
    let e = VerbethEvent::HandshakeResponse {
        in_response_to,
        responder,
        responder_ephemeral_r,
        ciphertext,
    };
    proof {
        assert(tv[1] == topics@[1]@);
        assert(tv[2] == topics@[2]@);
        match &e {
            VerbethEvent::HandshakeResponse {
                in_response_to: irt2,
                responder: r2,
                responder_ephemeral_r: re2,
                ciphertext: ct2,
            } => {
                assert(ct2@.len() == l);
                assert(lw == l as u64);
                assert(word_is_u64(dv, 64, ct2@.len() as u64));
                assert(bytes_at(dv, 64, ct2@));
                assert(is_hsr_log(tv, dv, irt2@, r2@, re2@, ct2@));
            },
            _ => {},
        }
    }
    Some(e)
}

/// Decode the data and topic words of a log whose signature topic is
/// `Handshake`.
fn decode_handshake(topics: &Vec<[u8; 32]>, data: &Vec<u8>) -> (r: Option<VerbethEvent>)
    requires
        topics@.len() == 3,
        topics_view(topics@)[0] == spec_handshake_sig(),
    ensures
        match r {
            Some(e) => e is Handshake && spec_decodes_to(topics_view(topics@), data@, e),
            None => forall|e: VerbethEvent|
                e is Handshake ==> !#[trigger] spec_decodes_to(topics_view(topics@), data@, e),
        },
{
    let ghost tv = topics_view(topics@);
    let ghost dv = data@;
    let n: usize = data.len();
    if n < 192 {
        proof {
            assert forall|e: VerbethEvent| e is Handshake implies !#[trigger] spec_decodes_to(
                tv,
                dv,
                e,
            ) by {
                if spec_decodes_to(tv, dv, e) {
                    match &e {
                        VerbethEvent::Handshake {
                            pub_keys,
                            ephemeral_pub_key,
                            plaintext_payload,
                            ..
                        } => {
                            lemma_pad32_bounds(pub_keys@.len() as int);
                            lemma_pad32_bounds(ephemeral_pub_key@.len() as int);
                            lemma_pad32_bounds(plaintext_payload@.len() as int);
                        },
                        _ => {},
                    }
                }
            }
        }
        return None;
    }
    if !word_equals_u64(data, 0, 96) {
        proof {
            assert forall|e: VerbethEvent| e is Handshake implies !#[trigger] spec_decodes_to(
                tv,
                dv,
                e,
            ) by {}
        }
        return None;
    }
    let o2w: u64 = match read_word_u64(data, 32) {
        Some(x) => x,
        None => {
            proof {
                let j = choose|j: int| 0 <= j < 24 && #[trigger] dv[32 + j] != 0;
                assert forall|e: VerbethEvent| e is Handshake implies !#[trigger] spec_decodes_to(
                    tv,
                    dv,
                    e,
                ) by {
                    if spec_decodes_to(tv, dv, e) {
                        assert(dv[32 + j] == 0);
                    }
                }
            }
            return None;
        }
    };
    let o3w: u64 = match read_word_u64(data, 64) {
        Some(x) => x,
        None => {
            proof {
                let j = choose|j: int| 0 <= j < 24 && #[trigger] dv[64 + j] != 0;
                assert forall|e: VerbethEvent| e is Handshake implies !#[trigger] spec_decodes_to(
                    tv,
                    dv,
                    e,
                ) by {
                    if spec_decodes_to(tv, dv, e) {
                        assert(dv[64 + j] == 0);
                    }
                }
            }
            return None;
        }
    };
    let l1w: u64 = match read_word_u64(data, 96) {
        Some(x) => x,
        None => {
            proof {
                let j = choose|j: int| 0 <= j < 24 && #[trigger] dv[96 + j] != 0;
                assert forall|e: VerbethEvent| e is Handshake implies !#[trigger] spec_decodes_to(
                    tv,
                    dv,
                    e,
                ) by {
                    if spec_decodes_to(tv, dv, e) {
                        assert(dv[96 + j] == 0);
                    }
                }
            }
            return None;
        }
    };
    if l1w > (n - 192) as u64 {
        proof {
            assert forall|e: VerbethEvent| e is Handshake implies !#[trigger] spec_decodes_to(
                tv,
                dv,
                e,
            ) by {
                if spec_decodes_to(tv, dv, e) {
                    match &e {
                        VerbethEvent::Handshake {
                            pub_keys,
                            ephemeral_pub_key,
                            plaintext_payload,
                            ..
                        } => {
                            lemma_word_u64_unique(dv, 96, l1w, pub_keys@.len() as u64);
                            lemma_pad32_bounds(pub_keys@.len() as int);
                            lemma_pad32_bounds(ephemeral_pub_key@.len() as int);
                            lemma_pad32_bounds(plaintext_payload@.len() as int);
                        },
                        _ => {},
                    }
                }
            }
        }
        return None;
    }
    let l1: usize = l1w as usize;
    let pad1: usize = pad_len(l1);
    let off2: usize = 128 + pad1;
    if o2w != off2 as u64 {
        proof {
            assert forall|e: VerbethEvent| e is Handshake implies !#[trigger] spec_decodes_to(
                tv,
                dv,
                e,
            ) by {
                if spec_decodes_to(tv, dv, e) {
                    match &e {
                        VerbethEvent::Handshake { pub_keys, .. } => {
                            lemma_word_u64_unique(dv, 96, l1w, pub_keys@.len() as u64);
                            lemma_word_u64_unique(
                                dv,
                                32,
                                o2w,
                                (128 + pad32(pub_keys@.len() as int)) as u64,
                            );
                        },
                        _ => {},
                    }
                }
            }
        }
        return None;
    }
    if n - off2 < 64 {
        proof {
            assert forall|e: VerbethEvent| e is Handshake implies !#[trigger] spec_decodes_to(
                tv,
                dv,
                e,
            ) by {
                if spec_decodes_to(tv, dv, e) {
                    match &e {
                        VerbethEvent::Handshake {
                            pub_keys,
                            ephemeral_pub_key,
                            plaintext_payload,
                            ..
                        } => {
                            lemma_word_u64_unique(dv, 96, l1w, pub_keys@.len() as u64);
                            lemma_pad32_bounds(ephemeral_pub_key@.len() as int);
                            lemma_pad32_bounds(plaintext_payload@.len() as int);
                        },
                        _ => {},
                    }
                }
            }
        }
        return None;
    }
    let m2: usize = n - off2 - 64;
    let l2w: u64 = match read_word_u64(data, off2) {
        Some(x) => x,
        None => {
            proof {
                let j = choose|j: int| 0 <= j < 24 && #[trigger] dv[off2 + j] != 0;
                assert forall|e: VerbethEvent| e is Handshake implies !#[trigger] spec_decodes_to(
                    tv,
                    dv,
                    e,
                ) by {
                    if spec_decodes_to(tv, dv, e) {
                        match &e {
                            VerbethEvent::Handshake { pub_keys, .. } => {
                                lemma_word_u64_unique(dv, 96, l1w, pub_keys@.len() as u64);
                                assert(dv[(128 + pad32(pub_keys@.len() as int)) + j] == 0);
                            },
                            _ => {},
                        }
                    }
                }
            }
            return None;
        }
    };
    if l2w > m2 as u64 {
        proof {
            assert forall|e: VerbethEvent| e is Handshake implies !#[trigger] spec_decodes_to(
                tv,
                dv,
                e,
            ) by {
                if spec_decodes_to(tv, dv, e) {
                    match &e {
                        VerbethEvent::Handshake {
                            pub_keys,
                            ephemeral_pub_key,
                            plaintext_payload,
                            ..
                        } => {
                            lemma_word_u64_unique(dv, 96, l1w, pub_keys@.len() as u64);
                            lemma_word_u64_unique(dv, off2 as int, l2w, ephemeral_pub_key@.len() as u64);
                            lemma_pad32_bounds(ephemeral_pub_key@.len() as int);
                            lemma_pad32_bounds(plaintext_payload@.len() as int);
                        },
                        _ => {},
                    }
                }
            }
        }
        return None;
    }
    let l2: usize = l2w as usize;
    let pad2: usize = pad_len(l2);
    let off3: usize = off2 + 32 + pad2;
    if o3w != off3 as u64 {
        proof {
            assert forall|e: VerbethEvent| e is Handshake implies !#[trigger] spec_decodes_to(
                tv,
                dv,
                e,
            ) by {
                if spec_decodes_to(tv, dv, e) {
                    match &e {
                        VerbethEvent::Handshake { pub_keys, ephemeral_pub_key, .. } => {
                            lemma_word_u64_unique(dv, 96, l1w, pub_keys@.len() as u64);
                            lemma_word_u64_unique(dv, off2 as int, l2w, ephemeral_pub_key@.len() as u64);
                            lemma_word_u64_unique(
                                dv,
                                64,
                                o3w,
                                ((128 + pad32(pub_keys@.len() as int)) + 32 + pad32(
                                    ephemeral_pub_key@.len() as int,
                                )) as u64,
                            );
                        },
                        _ => {},
                    }
                }
            }
        }
        return None;
    }
    if n - off3 < 32 {
        proof {
            assert forall|e: VerbethEvent| e is Handshake implies !#[trigger] spec_decodes_to(
                tv,
                dv,
                e,
            ) by {
                if spec_decodes_to(tv, dv, e) {
                    match &e {
                        VerbethEvent::Handshake {
                            pub_keys,
                            ephemeral_pub_key,
                            plaintext_payload,
                            ..
                        } => {
                            lemma_word_u64_unique(dv, 96, l1w, pub_keys@.len() as u64);
                            lemma_word_u64_unique(dv, off2 as int, l2w, ephemeral_pub_key@.len() as u64);
                            lemma_pad32_bounds(plaintext_payload@.len() as int);
                        },
                        _ => {},
                    }
                }
            }
        }
        return None;
    }
    let avail3: usize = n - off3 - 32;
    let l3w: u64 = match read_word_u64(data, off3) {
        Some(x) => x,
        None => {
            proof {
                let j = choose|j: int| 0 <= j < 24 && #[trigger] dv[off3 + j] != 0;
                assert forall|e: VerbethEvent| e is Handshake implies !#[trigger] spec_decodes_to(
                    tv,
                    dv,
                    e,
                ) by {
                    if spec_decodes_to(tv, dv, e) {
                        match &e {
                            VerbethEvent::Handshake { pub_keys, ephemeral_pub_key, .. } => {
                                lemma_word_u64_unique(dv, 96, l1w, pub_keys@.len() as u64);
                                lemma_word_u64_unique(
                                    dv,
                                    off2 as int,
                                    l2w,
                                    ephemeral_pub_key@.len() as u64,
                                );
                                assert(dv[((128 + pad32(pub_keys@.len() as int)) + 32 + pad32(
                                    ephemeral_pub_key@.len() as int,
                                )) + j] == 0);
                            },
                            _ => {},
                        }
                    }
                }
            }
            return None;
        }
    };
    if l3w > avail3 as u64 {
        proof {
            assert forall|e: VerbethEvent| e is Handshake implies !#[trigger] spec_decodes_to(
                tv,
                dv,
                e,
            ) by {
                if spec_decodes_to(tv, dv, e) {
                    match &e {
                        VerbethEvent::Handshake {
                            pub_keys,
                            ephemeral_pub_key,
                            plaintext_payload,
                            ..
                        } => {
                            lemma_word_u64_unique(dv, 96, l1w, pub_keys@.len() as u64);
                            lemma_word_u64_unique(dv, off2 as int, l2w, ephemeral_pub_key@.len() as u64);
                            lemma_word_u64_unique(dv, off3 as int, l3w, plaintext_payload@.len() as u64);
                            lemma_pad32_bounds(plaintext_payload@.len() as int);
                        },
                        _ => {},
                    }
                }
            }
        }
        return None;
    }
    let l3: usize = l3w as usize;
    let pad3: usize = pad_len(l3);
    if pad3 != avail3 {
        proof {
            assert forall|e: VerbethEvent| e is Handshake implies !#[trigger] spec_decodes_to(
                tv,
                dv,
                e,
            ) by {
                if spec_decodes_to(tv, dv, e) {
                    match &e {
                        VerbethEvent::Handshake {
                            pub_keys,
                            ephemeral_pub_key,
                            plaintext_payload,
                            ..
                        } => {
                            lemma_word_u64_unique(dv, 96, l1w, pub_keys@.len() as u64);
                            lemma_word_u64_unique(dv, off2 as int, l2w, ephemeral_pub_key@.len() as u64);
                            lemma_word_u64_unique(dv, off3 as int, l3w, plaintext_payload@.len() as u64);
                            lemma_pad32_bounds(plaintext_payload@.len() as int);
                        },
                        _ => {},
                    }
                }
            }
        }
        return None;
    }
    if !all_zero(data, 128 + l1, off2) {
        proof {
            let j0 = choose|j: int| 128 + l1 <= j < off2 && #[trigger] dv[j] != 0;
            assert forall|e: VerbethEvent| e is Handshake implies !#[trigger] spec_decodes_to(
                tv,
                dv,
                e,
            ) by {
                if spec_decodes_to(tv, dv, e) {
                    match &e {
                        VerbethEvent::Handshake { pub_keys, .. } => {
                            lemma_word_u64_unique(dv, 96, l1w, pub_keys@.len() as u64);
                            assert(dv[96 + 32 + (j0 - 128)] == 0);
                        },
                        _ => {},
                    }
                }
            }
        }
        return None;
    }
    if !all_zero(data, off2 + 32 + l2, off3) {
        proof {
            let j0 = choose|j: int| off2 + 32 + l2 <= j < off3 && #[trigger] dv[j] != 0;
            assert forall|e: VerbethEvent| e is Handshake implies !#[trigger] spec_decodes_to(
                tv,
                dv,
                e,
            ) by {
                if spec_decodes_to(tv, dv, e) {
                    match &e {
                        VerbethEvent::Handshake { pub_keys, ephemeral_pub_key, .. } => {
                            lemma_word_u64_unique(dv, 96, l1w, pub_keys@.len() as u64);
                            lemma_word_u64_unique(dv, off2 as int, l2w, ephemeral_pub_key@.len() as u64);
                            assert(dv[(off2 + 32) + (j0 - off2 - 32)] == 0);
                        },
                        _ => {},
                    }
                }
            }
        }
        return None;
    }
    if !all_zero(data, off3 + 32 + l3, n) {
        proof {
            let j0 = choose|j: int| off3 + 32 + l3 <= j < n && #[trigger] dv[j] != 0;
            assert forall|e: VerbethEvent| e is Handshake implies !#[trigger] spec_decodes_to(
                tv,
                dv,
                e,
            ) by {
                if spec_decodes_to(tv, dv, e) {
                    match &e {
                        VerbethEvent::Handshake {
                            pub_keys,
                            ephemeral_pub_key,
                            plaintext_payload,
                            ..
                        } => {
                            lemma_word_u64_unique(dv, 96, l1w, pub_keys@.len() as u64);
                            lemma_word_u64_unique(dv, off2 as int, l2w, ephemeral_pub_key@.len() as u64);
                            lemma_word_u64_unique(dv, off3 as int, l3w, plaintext_payload@.len() as u64);
                            assert(dv[(off3 + 32) + (j0 - off3 - 32)] == 0);
                        },
                        _ => {},
                    }
                }
            }
        }
        return None;
    }
    let sender: [u8; 20] = match topic_address(&topics[2]) {
        Some(a) => a,
        None => {
            proof {
                assert(tv[2] == topics@[2]@);
                assert forall|e: VerbethEvent| e is Handshake implies !#[trigger] spec_decodes_to(
                    tv,
                    dv,
                    e,
                ) by {}
            }
            return None;
        }
    };
    let pub_keys = copy_range(data, 128, l1);
    let ephemeral_pub_key = copy_range(data, off2 + 32, l2);
    let plaintext_payload = copy_range(data, off3 + 32, l3);
    let recipient_hash: [u8; 32] = topics[1];
    let e = VerbethEvent::Handshake {
        recipient_hash,
        sender,
        pub_keys,
        ephemeral_pub_key,
        plaintext_payload,
    };
    proof {
        assert(tv[1] == topics@[1]@);
        assert(tv[2] == topics@[2]@);
        match &e {
            VerbethEvent::Handshake {
                recipient_hash: rh2,
                sender: s2,
                pub_keys: pk2,
                ephemeral_pub_key: ek2,
                plaintext_payload: pp2,
            } => {
                assert(pk2@.len() == l1 && ek2@.len() == l2 && pp2@.len() == l3);
                assert(l1w == l1 as u64 && l2w == l2 as u64 && l3w == l3 as u64);
                assert(128 + pad32(pk2@.len() as int) == off2);
                assert(128 + pad32(pk2@.len() as int) + 32 + pad32(ek2@.len() as int) == off3);
                assert(word_is_u64(dv, 96, pk2@.len() as u64));
                assert(word_is_u64(dv, off2 as int, ek2@.len() as u64));
                assert(word_is_u64(dv, off3 as int, pp2@.len() as u64));
                assert(bytes_at(dv, 96, pk2@));
                assert(bytes_at(dv, off2 as int, ek2@));
                assert(bytes_at(dv, off3 as int, pp2@));
                assert(is_handshake_log(tv, dv, rh2@, s2@, pk2@, ek2@, pp2@));
            },
            _ => {},
        }
    }
    Some(e)
}

/// Decode a raw chain log into a typed Verbeth event.
///
/// Returns `None` for a log that is the canonical encoding of no Verbeth
/// event: a foreign signature, a wrong topic count, or malformed data —
/// including a timestamp, nonce, offset or length outside the accepted
/// range.
pub fn decode_log(log: &RawLog) -> (r: Option<VerbethEvent>)
    ensures
        match r {
            Some(e) => spec_decodes_to(topics_view(log.topics@), log.data@, e),
            None => forall|e: VerbethEvent|
                !#[trigger] spec_decodes_to(topics_view(log.topics@), log.data@, e),
        },
{
    let ghost tv = topics_view(log.topics@);
    let ghost dv = log.data@;
    if log.topics.len() == 0 {
        proof {
            assert forall|e: VerbethEvent| !#[trigger] spec_decodes_to(tv, dv, e) by {
                if spec_decodes_to(tv, dv, e) {
                    match &e {
                        VerbethEvent::MessageSent { .. } => {
                            assert(tv.len() == 3);
                        },
                        VerbethEvent::Handshake { .. } => {
                            assert(tv.len() == 3);
                        },
                        VerbethEvent::HandshakeResponse { .. } => {
                            assert(tv.len() == 3);
                        },
                    }
                }
            }
        }
        return None;
    }
    let sig: [u8; 32] = log.topics[0];
    proof {
        lemma_sigs_distinct();
        assert(tv[0] == log.topics@[0]@);
    }
    let ms = message_sent_signature();
    if eq32(&sig, &ms) {
        if log.topics.len() != 3 {
            proof {
                assert forall|e: VerbethEvent| !#[trigger] spec_decodes_to(tv, dv, e) by {}
            }
            return None;
        }
        let r = decode_message_sent(&log.topics, &log.data);
        proof {
            if r is None {
                assert forall|e: VerbethEvent| !#[trigger] spec_decodes_to(tv, dv, e) by {
                    if spec_decodes_to(tv, dv, e) {
                        match &e {
                            VerbethEvent::MessageSent { .. } => {},
                            VerbethEvent::Handshake { .. } => {
                                assert(tv[0] == spec_handshake_sig());
                            },
                            VerbethEvent::HandshakeResponse { .. } => {
                                assert(tv[0] == spec_hsr_sig());
                            },
                        }
                    }
                }
            }
        }
        return r;
    }
    let hs = handshake_signature();
    if eq32(&sig, &hs) {
        if log.topics.len() != 3 {
            proof {
                assert forall|e: VerbethEvent| !#[trigger] spec_decodes_to(tv, dv, e) by {}
            }
            return None;
        }
        let r = decode_handshake(&log.topics, &log.data);
        proof {
            if r is None {
                assert forall|e: VerbethEvent| !#[trigger] spec_decodes_to(tv, dv, e) by {
                    if spec_decodes_to(tv, dv, e) {
                        match &e {
                            VerbethEvent::MessageSent { .. } => {
                                assert(tv[0] == spec_message_sent_sig());
                            },
                            VerbethEvent::Handshake { .. } => {},
                            VerbethEvent::HandshakeResponse { .. } => {
                                assert(tv[0] == spec_hsr_sig());
                            },
                        }
                    }
                }
            }
        }
        return r;
    }
    let hr = hsr_signature();
    if eq32(&sig, &hr) {
        if log.topics.len() != 3 {
            proof {
                assert forall|e: VerbethEvent| !#[trigger] spec_decodes_to(tv, dv, e) by {}
            }
            return None;
        }
        let r = decode_hsr(&log.topics, &log.data);
        proof {
            if r is None {
                assert forall|e: VerbethEvent| !#[trigger] spec_decodes_to(tv, dv, e) by {
                    if spec_decodes_to(tv, dv, e) {
                        match &e {
                            VerbethEvent::MessageSent { .. } => {
                                assert(tv[0] == spec_message_sent_sig());
                            },
                            VerbethEvent::Handshake { .. } => {
                                assert(tv[0] == spec_handshake_sig());
                            },
                            VerbethEvent::HandshakeResponse { .. } => {},
                        }
                    }
                }
            }
        }
        return r;
    }
    proof {
        assert forall|e: VerbethEvent| !#[trigger] spec_decodes_to(tv, dv, e) by {
            if spec_decodes_to(tv, dv, e) {
                match &e {
                    VerbethEvent::MessageSent { .. } => {
                        assert(tv[0] == spec_message_sent_sig());
                    },
                    VerbethEvent::Handshake { .. } => {
                        assert(tv[0] == spec_handshake_sig());
                    },
                    VerbethEvent::HandshakeResponse { .. } => {
                        assert(tv[0] == spec_hsr_sig());
                    },
                }
            }
        }
    }
    None
}

/// The ABI topic word of a 20-byte address.
fn address_word(a: &[u8; 20]) -> (w: [u8; 32])
    ensures
        topic_is_address(w@, a@),
{
    let mut w: [u8; 32] = [0u8; 32];
    let mut j: usize = 0;
    while j < 20
        invariant
            j <= 20,
            forall|k: int| 0 <= k < 12 ==> #[trigger] w@[k] == 0,
            forall|k: int| 0 <= k < j ==> #[trigger] w@[12 + k] == a@[k],
        decreases 20 - j,
    {
        w[12 + j] = a[j];
        j += 1;
    }
    w
}

/// Append `count` zero bytes.
fn push_zeros(out: &mut Vec<u8>, count: usize)
    ensures
        final(out)@.len() == old(out)@.len() + count,
        forall|j: int| 0 <= j < old(out)@.len() ==> #[trigger] final(out)@[j] == old(out)@[j],
        forall|j: int| old(out)@.len() <= j < final(out)@.len() ==> #[trigger] final(out)@[j] == 0,
{
    let mut i: usize = 0;
    while i < count
        invariant
            i <= count,
            out@.len() == old(out)@.len() + i,
            forall|j: int| 0 <= j < old(out)@.len() ==> #[trigger] out@[j] == old(out)@[j],
            forall|j: int| old(out)@.len() <= j < out@.len() ==> #[trigger] out@[j] == 0,
        decreases count - i,
    {
        out.push(0);
        i += 1;
    }
}

/// Append the ABI word of a 64-bit value.
fn push_word_u64(out: &mut Vec<u8>, x: u64)
    ensures
        final(out)@.len() == old(out)@.len() + 32,
        forall|j: int| 0 <= j < old(out)@.len() ==> #[trigger] final(out)@[j] == old(out)@[j],
        word_is_u64(final(out)@, old(out)@.len() as int, x),
{
    let ghost base = out@.len() as int;
    push_zeros(out, 24);
    let b0: u8 = ((x >> 56u64) & 0xff) as u8;
    let b1: u8 = ((x >> 48u64) & 0xff) as u8;
    let b2: u8 = ((x >> 40u64) & 0xff) as u8;
    let b3: u8 = ((x >> 32u64) & 0xff) as u8;
    let b4: u8 = ((x >> 24u64) & 0xff) as u8;
    let b5: u8 = ((x >> 16u64) & 0xff) as u8;
    let b6: u8 = ((x >> 8u64) & 0xff) as u8;
    let b7: u8 = ((x >> 0u64) & 0xff) as u8;
    out.push(b0);
    out.push(b1);
    out.push(b2);
    out.push(b3);
    out.push(b4);
    out.push(b5);
    out.push(b6);
    out.push(b7);
    proof {
        assert(out@[base + 24] == b0 && out@[base + 25] == b1 && out@[base + 26] == b2 && out@[base
            + 27] == b3 && out@[base + 28] == b4 && out@[base + 29] == b5 && out@[base + 30] == b6
            && out@[base + 31] == b7);
        assert forall|j: int| 0 <= j < 8 implies #[trigger] out@[base + 24 + j] == u64_byte(
            x,
            j,
        ) by {
            if j == 0 {
            } else if j == 1 {
            } else if j == 2 {
            } else if j == 3 {
            } else if j == 4 {
            } else if j == 5 {
            } else if j == 6 {
            } else {
                assert(out@[base + 24 + 7] == b7);
            }
        }
        assert forall|j: int| 0 <= j < 24 implies #[trigger] out@[base + j] == 0 by {}
    }
}

/// Append the ABI tail of a dynamic byte string: length word, bytes, zero
/// padding.
fn push_bytes_tail(out: &mut Vec<u8>, b: &Vec<u8>)
    requires
        b@.len() + 31 <= usize::MAX,
    ensures
        final(out)@.len() == old(out)@.len() + 32 + pad32(b@.len() as int),
        forall|j: int| 0 <= j < old(out)@.len() ==> #[trigger] final(out)@[j] == old(out)@[j],
        bytes_at(final(out)@, old(out)@.len() as int, b@),
{
    let ghost base = out@.len() as int;
    let ghost orig = out@;
    push_word_u64(out, b.len() as u64);
    let ghost pre = out@;
    let len: usize = b.len();
    let mut i: usize = 0;
    while i < len
        invariant
            i <= len,
            len == b@.len(),
            0 <= base,
            pre.len() == base + 32,
            out@.len() == base + 32 + i,
            forall|j: int| 0 <= j < base + 32 ==> #[trigger] out@[j] == pre[j],
            forall|j: int| 0 <= j < i ==> #[trigger] out@[base + 32 + j] == b@[j],
        decreases len - i,
    {
        out.push(b[i]);
        i += 1;
    }
    let pad: usize = pad_len(len);
    push_zeros(out, pad - len);
    proof {
        assert(word_is_u64(pre, base, b@.len() as u64));
        assert forall|j: int| 0 <= j < 24 implies #[trigger] out@[base + j] == 0 by {
            assert(out@[base + j] == pre[base + j]);
        }
        assert forall|j: int| 0 <= j < 8 implies #[trigger] out@[base + 24 + j] == u64_byte(
            b@.len() as u64,
            j,
        ) by {
            assert(out@[base + 24 + j] == pre[base + 24 + j]);
        }
        assert forall|j: int| 0 <= j < b@.len() implies #[trigger] out@[base + 32 + j]
            == b@[j] by {}
        assert forall|j: int| b@.len() <= j < pad32(b@.len() as int) implies #[trigger] out@[base
            + 32 + j] == 0 by {}
        assert forall|j: int| 0 <= j < base implies #[trigger] out@[j] == orig[j] by {
            assert(out@[j] == pre[j]);
            assert(pre[j] == orig[j]);
        }
        assert(word_is_u64(out@, base, b@.len() as u64));
    }
}

/// Build the canonical log of a `MessageSent` event, as the contract emits
/// it.
pub fn encode_message_sent_log(
    sender: &[u8; 20],
    ciphertext: &Vec<u8>,
    timestamp: u64,
    topic: &[u8; 32],
    nonce: u64,
) -> (r: RawLog)
    requires
        ciphertext@.len() + 160 <= usize::MAX,
    ensures
        is_message_sent_log(
            topics_view(r.topics@),
            r.data@,
            sender@,
            ciphertext@,
            timestamp,
            topic@,
            nonce,
        ),
{
    let mut topics: Vec<[u8; 32]> = Vec::new();
    topics.push(message_sent_signature());
    topics.push(address_word(sender));
    topics.push(*topic);
    let mut data: Vec<u8> = Vec::new();
    push_word_u64(&mut data, 96);
    push_word_u64(&mut data, timestamp);
    push_word_u64(&mut data, nonce);
    push_bytes_tail(&mut data, ciphertext);
    let r = RawLog { topics, data };
    proof {
        let tv = topics_view(r.topics@);
        assert(tv[0] == r.topics@[0]@ && tv[1] == r.topics@[1]@ && tv[2] == r.topics@[2]@);
        assert(word_is_u64(r.data@, 0, 96));
        assert(word_is_u64(r.data@, 32, timestamp));
        assert(word_is_u64(r.data@, 64, nonce));
        assert(bytes_at(r.data@, 96, ciphertext@));
    }
    r
}

/// Build the canonical log of a `Handshake` event, as the contract emits
/// it.
pub fn encode_handshake_log(
    recipient_hash: &[u8; 32],
    sender: &[u8; 20],
    pub_keys: &Vec<u8>,
    ephemeral_pub_key: &Vec<u8>,
    plaintext_payload: &Vec<u8>,
) -> (r: RawLog)
    requires
        pub_keys@.len() + ephemeral_pub_key@.len() + plaintext_payload@.len() + 288 <= usize::MAX,
    ensures
        is_handshake_log(
            topics_view(r.topics@),
            r.data@,
            recipient_hash@,
            sender@,
            pub_keys@,
            ephemeral_pub_key@,
            plaintext_payload@,
        ),
{
    let mut topics: Vec<[u8; 32]> = Vec::new();
    topics.push(handshake_signature());
    topics.push(*recipient_hash);
    topics.push(address_word(sender));
    let off2: usize = 128 + pad_len(pub_keys.len());
    let off3: usize = off2 + 32 + pad_len(ephemeral_pub_key.len());
    let mut data: Vec<u8> = Vec::new();
    push_word_u64(&mut data, 96);
    push_word_u64(&mut data, off2 as u64);
    push_word_u64(&mut data, off3 as u64);
    push_bytes_tail(&mut data, pub_keys);
    push_bytes_tail(&mut data, ephemeral_pub_key);
    push_bytes_tail(&mut data, plaintext_payload);
    let r = RawLog { topics, data };
    proof {
        let tv = topics_view(r.topics@);
        assert(tv[0] == r.topics@[0]@ && tv[1] == r.topics@[1]@ && tv[2] == r.topics@[2]@);
        assert(word_is_u64(r.data@, 0, 96));
        assert(word_is_u64(r.data@, 32, off2 as u64));
        assert(word_is_u64(r.data@, 64, off3 as u64));
        assert(bytes_at(r.data@, 96, pub_keys@));
        assert(bytes_at(r.data@, off2 as int, ephemeral_pub_key@));
        assert(bytes_at(r.data@, off3 as int, plaintext_payload@));
        assert(off2 == 128 + pad32(pub_keys@.len() as int));
        assert(off3 == off2 + 32 + pad32(ephemeral_pub_key@.len() as int));
    }
    r
}

/// Append a raw 32-byte word.
fn push_bytes32(out: &mut Vec<u8>, w: &[u8; 32])
    ensures
        final(out)@.len() == old(out)@.len() + 32,
        forall|j: int| 0 <= j < old(out)@.len() ==> #[trigger] final(out)@[j] == old(out)@[j],
        word_is_bytes32(final(out)@, old(out)@.len() as int, w@),
{
    let ghost base = out@.len() as int;
    let mut i: usize = 0;
    while i < 32
        invariant
            i <= 32,
            out@.len() == base + i,
            0 <= base,
            forall|j: int| 0 <= j < base ==> #[trigger] out@[j] == old(out)@[j],
            forall|j: int| 0 <= j < i ==> #[trigger] out@[base + j] == w@[j],
        decreases 32 - i,
    {
        out.push(w[i]);
        i += 1;
    }
}

/// Build the canonical log of a `HandshakeResponse` event, as the contract
/// emits it.
pub fn encode_hsr_log(
    in_response_to: &[u8; 32],
    responder: &[u8; 20],
    responder_ephemeral_r: &[u8; 32],
    ciphertext: &Vec<u8>,
) -> (r: RawLog)
    requires
        ciphertext@.len() + 128 <= usize::MAX,
    ensures
        is_hsr_log(
            topics_view(r.topics@),
            r.data@,
            in_response_to@,
            responder@,
            responder_ephemeral_r@,
            ciphertext@,
        ),
{
    let mut topics: Vec<[u8; 32]> = Vec::new();
    topics.push(hsr_signature());
    topics.push(*in_response_to);
    topics.push(address_word(responder));
    let mut data: Vec<u8> = Vec::new();
    push_bytes32(&mut data, responder_ephemeral_r);
    push_word_u64(&mut data, 64);
    push_bytes_tail(&mut data, ciphertext);
    let r = RawLog { topics, data };
    proof {
        let tv = topics_view(r.topics@);
        assert(tv[0] == r.topics@[0]@ && tv[1] == r.topics@[1]@ && tv[2] == r.topics@[2]@);
        assert(word_is_bytes32(r.data@, 0, responder_ephemeral_r@));
        assert(word_is_u64(r.data@, 32, 64));
        assert(bytes_at(r.data@, 64, ciphertext@));
    }
    r
}

/// A log determines the `Handshake` fields it encodes.
pub proof fn lemma_handshake_log_unique(
    topics: Seq<Seq<u8>>,
    data: Seq<u8>,
    recipient_hash1: Seq<u8>,
    sender1: Seq<u8>,
    pub_keys1: Seq<u8>,
    ephemeral_pub_key1: Seq<u8>,
    plaintext_payload1: Seq<u8>,
    recipient_hash2: Seq<u8>,
    sender2: Seq<u8>,
    pub_keys2: Seq<u8>,
    ephemeral_pub_key2: Seq<u8>,
    plaintext_payload2: Seq<u8>,
)
    requires
        is_handshake_log(
            topics,
            data,
            recipient_hash1,
            sender1,
            pub_keys1,
            ephemeral_pub_key1,
            plaintext_payload1,
        ),
        is_handshake_log(
            topics,
            data,
            recipient_hash2,
            sender2,
            pub_keys2,
            ephemeral_pub_key2,
            plaintext_payload2,
        ),
    ensures
        recipient_hash1 == recipient_hash2,
        sender1 == sender2,
        pub_keys1 == pub_keys2,
        ephemeral_pub_key1 == ephemeral_pub_key2,
        plaintext_payload1 == plaintext_payload2,
{
    lemma_word_u64_unique(data, 96, pub_keys1.len() as u64, pub_keys2.len() as u64);
    assert(pub_keys1.len() == pub_keys2.len());
    assert forall|j: int| 0 <= j < pub_keys1.len() implies pub_keys1[j] == pub_keys2[j] by {
        assert(data[96 + 32 + j] == pub_keys1[j]);
        assert(data[96 + 32 + j] == pub_keys2[j]);
    }
    assert(pub_keys1 =~= pub_keys2);
    let off2 = 128 + pad32(pub_keys1.len() as int);
    lemma_word_u64_unique(
        data,
        off2,
        ephemeral_pub_key1.len() as u64,
        ephemeral_pub_key2.len() as u64,
    );
    assert(ephemeral_pub_key1.len() == ephemeral_pub_key2.len());
    assert forall|j: int| 0 <= j < ephemeral_pub_key1.len() implies ephemeral_pub_key1[j]
        == ephemeral_pub_key2[j] by {
        assert(data[off2 + 32 + j] == ephemeral_pub_key1[j]);
        assert(data[off2 + 32 + j] == ephemeral_pub_key2[j]);
    }
    assert(ephemeral_pub_key1 =~= ephemeral_pub_key2);
    let off3 = off2 + 32 + pad32(ephemeral_pub_key1.len() as int);
    lemma_word_u64_unique(
        data,
        off3,
        plaintext_payload1.len() as u64,
        plaintext_payload2.len() as u64,
    );
    assert(plaintext_payload1.len() == plaintext_payload2.len());
    assert forall|j: int| 0 <= j < plaintext_payload1.len() implies plaintext_payload1[j]
        == plaintext_payload2[j] by {
        assert(data[off3 + 32 + j] == plaintext_payload1[j]);
        assert(data[off3 + 32 + j] == plaintext_payload2[j]);
    }
    assert(plaintext_payload1 =~= plaintext_payload2);
    assert forall|j: int| 0 <= j < 20 implies sender1[j] == sender2[j] by {
        assert(topics[2][12 + j] == sender1[j]);
        assert(topics[2][12 + j] == sender2[j]);
    }
    assert(sender1 =~= sender2);
}

/// A log determines the `HandshakeResponse` fields it encodes.
pub proof fn lemma_hsr_log_unique(
    topics: Seq<Seq<u8>>,
    data: Seq<u8>,
    in_response_to1: Seq<u8>,
    responder1: Seq<u8>,
    responder_ephemeral_r1: Seq<u8>,
    ciphertext1: Seq<u8>,
    in_response_to2: Seq<u8>,
    responder2: Seq<u8>,
    responder_ephemeral_r2: Seq<u8>,
    ciphertext2: Seq<u8>,
)
    requires
        is_hsr_log(topics, data, in_response_to1, responder1, responder_ephemeral_r1, ciphertext1),
        is_hsr_log(topics, data, in_response_to2, responder2, responder_ephemeral_r2, ciphertext2),
    ensures
        in_response_to1 == in_response_to2,
        responder1 == responder2,
        responder_ephemeral_r1 == responder_ephemeral_r2,
        ciphertext1 == ciphertext2,
{
    assert forall|j: int| 0 <= j < 32 implies responder_ephemeral_r1[j]
        == responder_ephemeral_r2[j] by {
        assert(data[0 + j] == responder_ephemeral_r1[j]);
        assert(data[0 + j] == responder_ephemeral_r2[j]);
    }
    assert(responder_ephemeral_r1 =~= responder_ephemeral_r2);
    lemma_word_u64_unique(data, 64, ciphertext1.len() as u64, ciphertext2.len() as u64);
    assert(ciphertext1.len() == ciphertext2.len());
    assert forall|j: int| 0 <= j < ciphertext1.len() implies ciphertext1[j] == ciphertext2[j] by {
        assert(data[64 + 32 + j] == ciphertext1[j]);
        assert(data[64 + 32 + j] == ciphertext2[j]);
    }
    assert(ciphertext1 =~= ciphertext2);
    assert forall|j: int| 0 <= j < 20 implies responder1[j] == responder2[j] by {
        assert(topics[2][12 + j] == responder1[j]);
        assert(topics[2][12 + j] == responder2[j]);
    }
    assert(responder1 =~= responder2);
}

/// Decoding is a function of the log: two events the same log encodes agree
/// in variant and in every field.
pub proof fn lemma_decode_deterministic(
    topics: Seq<Seq<u8>>,
    data: Seq<u8>,
    e1: VerbethEvent,
    e2: VerbethEvent,
)
    requires
        spec_decodes_to(topics, data, e1),
        spec_decodes_to(topics, data, e2),
    ensures
        e1 matches VerbethEvent::MessageSent {
            sender: s1,
            ciphertext: c1,
            timestamp: t1,
            topic: p1,
            nonce: n1,
        } ==> (e2 matches VerbethEvent::MessageSent {
            sender: s2,
            ciphertext: c2,
            timestamp: t2,
            topic: p2,
            nonce: n2,
        } && s1@ == s2@ && c1@ == c2@ && t1 == t2 && p1@ == p2@ && n1 == n2),
        e1 matches VerbethEvent::Handshake {
            recipient_hash: r1,
            sender: s1,
            pub_keys: k1,
            ephemeral_pub_key: q1,
            plaintext_payload: l1,
        } ==> (e2 matches VerbethEvent::Handshake {
            recipient_hash: r2,
            sender: s2,
            pub_keys: k2,
            ephemeral_pub_key: q2,
            plaintext_payload: l2,
        } && r1@ == r2@ && s1@ == s2@ && k1@ == k2@ && q1@ == q2@ && l1@ == l2@),
        e1 matches VerbethEvent::HandshakeResponse {
            in_response_to: i1,
            responder: s1,
            responder_ephemeral_r: h1,
            ciphertext: c1,
        } ==> (e2 matches VerbethEvent::HandshakeResponse {
            in_response_to: i2,
            responder: s2,
            responder_ephemeral_r: h2,
            ciphertext: c2,
        } && i1@ == i2@ && s1@ == s2@ && h1@ == h2@ && c1@ == c2@),
{
    lemma_sigs_distinct();
    match (e1, e2) {
        (
            VerbethEvent::MessageSent { sender: s1, ciphertext: c1, timestamp: t1, topic: p1, nonce: n1 },
            VerbethEvent::MessageSent { sender: s2, ciphertext: c2, timestamp: t2, topic: p2, nonce: n2 },
        ) => {
            lemma_message_sent_log_unique(
                topics,
                data,
                s1@,
                c1@,
                t1,
                p1@,
                n1,
                s2@,
                c2@,
                t2,
                p2@,
                n2,
            );
        },
        (
            VerbethEvent::Handshake {
                recipient_hash: r1,
                sender: s1,
                pub_keys: k1,
                ephemeral_pub_key: q1,
                plaintext_payload: l1,
            },
            VerbethEvent::Handshake {
                recipient_hash: r2,
                sender: s2,
                pub_keys: k2,
                ephemeral_pub_key: q2,
                plaintext_payload: l2,
            },
        ) => {
            lemma_handshake_log_unique(
                topics,
                data,
                r1@,
                s1@,
                k1@,
                q1@,
                l1@,
                r2@,
                s2@,
                k2@,
                q2@,
                l2@,
            );
        },
        (
            VerbethEvent::HandshakeResponse {
                in_response_to: i1,
                responder: s1,
                responder_ephemeral_r: h1,
                ciphertext: c1,
            },
            VerbethEvent::HandshakeResponse {
                in_response_to: i2,
                responder: s2,
                responder_ephemeral_r: h2,
                ciphertext: c2,
            },
        ) => {
            lemma_hsr_log_unique(topics, data, i1@, s1@, h1@, c1@, i2@, s2@, h2@, c2@);
        },
        _ => {
            assert(false);
        },
    }
}

/// A log determines the `MessageSent` fields it encodes: decoding the
/// re-encoded topic and data slots can only give back the same values.
pub proof fn lemma_message_sent_log_unique(
    topics: Seq<Seq<u8>>,
    data: Seq<u8>,
    sender1: Seq<u8>,
    ciphertext1: Seq<u8>,
    timestamp1: u64,
    topic1: Seq<u8>,
    nonce1: u64,
    sender2: Seq<u8>,
    ciphertext2: Seq<u8>,
    timestamp2: u64,
    topic2: Seq<u8>,
    nonce2: u64,
)
    requires
        is_message_sent_log(topics, data, sender1, ciphertext1, timestamp1, topic1, nonce1),
        is_message_sent_log(topics, data, sender2, ciphertext2, timestamp2, topic2, nonce2),
    ensures
        sender1 == sender2,
        ciphertext1 == ciphertext2,
        timestamp1 == timestamp2,
        topic1 == topic2,
        nonce1 == nonce2,
{
    lemma_word_u64_unique(data, 32, timestamp1, timestamp2);
    lemma_word_u64_unique(data, 64, nonce1, nonce2);
    lemma_word_u64_unique(data, 96, ciphertext1.len() as u64, ciphertext2.len() as u64);
    assert(ciphertext1.len() == ciphertext2.len());
    assert forall|j: int| 0 <= j < ciphertext1.len() implies ciphertext1[j] == ciphertext2[j] by {
        assert(data[96 + 32 + j] == ciphertext1[j]);
        assert(data[96 + 32 + j] == ciphertext2[j]);
    }
    assert(ciphertext1 =~= ciphertext2);
    assert forall|j: int| 0 <= j < 20 implies sender1[j] == sender2[j] by {
        assert(topics[1][12 + j] == sender1[j]);
        assert(topics[1][12 + j] == sender2[j]);
    }
    assert(sender1 =~= sender2);
}

} // verus!
