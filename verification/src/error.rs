//! Error taxonomy of the indexer core.

use vstd::prelude::*;

verus! {

/// Payload field that a protocol size bound applies to.
#[derive(Clone, Copy, Debug, PartialEq, Eq, Structural)]
pub enum PayloadField {
    /// `MessageSent.ciphertext`
    Ciphertext,
    /// `Handshake.pub_keys`
    PubKeys,
    /// `Handshake.ephemeral_pub_key`
    EphemeralPubKey,
    /// `Handshake.plaintext_payload`
    PlaintextPayload,
    /// `HandshakeResponse.ciphertext`
    HsrCiphertext,
}

impl PayloadField {
    /// Wire name of the field, as it appears in diagnostics.
    pub fn label(&self) -> (r: &'static str)
        ensures
            *self is Ciphertext ==> r@ == "ciphertext"@,
            *self is PubKeys ==> r@ == "pubKeys"@,
            *self is EphemeralPubKey ==> r@ == "ephemeralPubKey"@,
            *self is PlaintextPayload ==> r@ == "plaintextPayload"@,
            *self is HsrCiphertext ==> r@ == "hsrCiphertext"@,
    {
        match self {
            PayloadField::Ciphertext => "ciphertext",
            PayloadField::PubKeys => "pubKeys",
            PayloadField::EphemeralPubKey => "ephemeralPubKey",
            PayloadField::PlaintextPayload => "plaintextPayload",
            PayloadField::HsrCiphertext => "hsrCiphertext",
        }
    }
}

/// Errors surfaced by the indexer core.
///
/// Variants that wrap an I/O-layer failure carry its text, handed in by the
/// caller that performed the call.
#[derive(Clone, Debug)]
pub enum IndexerError {
    /// Failure reported by the embedded database.
    Database(String),
    /// Failure acquiring a pooled database connection.
    Pool(String),
    /// Failure reported by the RPC transport.
    Rpc(String),
    /// Invalid or missing configuration.
    Config(String),
    /// A log that carried a known signature but malformed payload data.
    Decode(String),
    /// The RPC provider reported no block at this number.
    BlockNotFound(u64),
    /// A payload field exceeds its protocol bound.
    PayloadTooLarge { field: PayloadField, size: usize, max: usize },
}

/// The text an error carries into logs and the retry queue.
pub open spec fn spec_error_text(e: IndexerError) -> Seq<char> {
    match e {
        IndexerError::Database(s) => s@,
        IndexerError::Pool(s) => s@,
        IndexerError::Rpc(s) => s@,
        IndexerError::Config(s) => s@,
        IndexerError::Decode(s) => s@,
        IndexerError::BlockNotFound(_) => "block not found"@,
        IndexerError::PayloadTooLarge { .. } => "payload too large"@,
    }
}

impl IndexerError {
    /// The error's text, as logs and the retry queue record it.
    pub fn message(&self) -> (r: String)
        ensures
            r@ == spec_error_text(*self),
    {
        match self {
            IndexerError::Database(s) => s.clone(),
            IndexerError::Pool(s) => s.clone(),
            IndexerError::Rpc(s) => s.clone(),
            IndexerError::Config(s) => s.clone(),
            IndexerError::Decode(s) => s.clone(),
            IndexerError::BlockNotFound(_) => "block not found".to_owned(),
            IndexerError::PayloadTooLarge { .. } => "payload too large".to_owned(),
        }
    }
}

} // verus!
