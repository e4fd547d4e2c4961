//! The payload of the read-only health probe: liveness status, checkpoint
//! and per-table counts, computed from the store. The HTTP listener that
//! serves it lives outside the library.

use vstd::prelude::*;

use crate::models::EventCounts;
use crate::store::Store;

verus! {

/// Per-table counts as the health endpoint reports them.
#[derive(Clone, Copy, Debug, PartialEq, Eq, Structural)]
pub struct EventCountsResponse {
    pub messages: i64,
    pub handshakes: i64,
    pub handshake_responses: i64,
}

impl From<EventCounts> for EventCountsResponse {
    fn from(c: EventCounts) -> (r: EventCountsResponse) {
        EventCountsResponse {
            messages: c.messages,
            handshakes: c.handshakes,
            handshake_responses: c.handshake_responses,
        }
    }
}

impl vstd::std_specs::convert::FromSpecImpl<EventCounts> for EventCountsResponse {
    open spec fn obeys_from_spec() -> bool {
        true
    }

    open spec fn from_spec(c: EventCounts) -> EventCountsResponse {
        EventCountsResponse {
            messages: c.messages,
            handshakes: c.handshakes,
            handshake_responses: c.handshake_responses,
        }
    }
}

/// What the health probe answers.
#[derive(Debug)]
pub struct HealthResponse {
    pub status: &'static str,
    pub last_block: Option<i64>,
    pub uptime_seconds: u64,
    pub counts: EventCountsResponse,
}

/// The health payload for the store's current state: status is `ok` once a
/// checkpoint exists and `syncing` before.
pub fn build_health_response(store: &Store, uptime_seconds: u64) -> (r: HealthResponse)
    ensures
        r.last_block == store.last_block(),
        r.uptime_seconds == uptime_seconds,
        (store.last_block() is Some) ==> r.status@ == "ok"@,
        (store.last_block() is None) ==> r.status@ == "syncing"@,
        store.messages().len() <= i64::MAX ==> r.counts.messages == store.messages().len(),
        store.handshakes().len() <= i64::MAX ==> r.counts.handshakes == store.handshakes().len(),
        store.handshake_responses().len() <= i64::MAX ==> r.counts.handshake_responses
            == store.handshake_responses().len(),
{
    let last_block = store.get_last_processed_block();
    let counts = store.get_event_counts();
    let status: &'static str = if last_block.is_some() {
        "ok"
    } else {
        "syncing"
    };
    HealthResponse {
        status,
        last_block,
        uptime_seconds,
        counts: EventCountsResponse::from(counts),
    }
}

} // verus!
