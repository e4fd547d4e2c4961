//! Startup decisions of the supervisor: where the initial backfill starts,
//! and how the HTTP endpoint is derived from the WebSocket one. Process
//! orchestration — spawning the workers, the health listener and the
//! shutdown signal — lives outside the library.

use vstd::prelude::*;

verus! {

/// Blocks per day at the chain's two-second block time.
pub const BLOCKS_PER_DAY: u64 = 43200;

/// First block of the initial backfill: a fresh store starts a bounded
/// window below the chain head (but never before the contract's creation
/// block); a resumed store starts right after its checkpoint.
pub fn compute_start_block(
    is_empty: bool,
    last_block: Option<i64>,
    creation_block: u64,
    chain_head: u64,
    backfill_days: u32,
) -> (r: u64)
    requires
        !is_empty ==> match last_block {
            Some(b) => (b as u64) < u64::MAX,
            None => creation_block < u64::MAX,
        },
    ensures
        is_empty ==> r == ({
            let window = BLOCKS_PER_DAY * (backfill_days as u64);
            let base: int = if chain_head >= window {
                chain_head - window
            } else {
                0
            };
            if base >= creation_block {
                base
            } else {
                creation_block as int
            }
        }),
        !is_empty ==> r == (match last_block {
            Some(b) => b as u64,
            None => creation_block,
        }) + 1,
{
    if is_empty {
        let window: u64 = BLOCKS_PER_DAY * (backfill_days as u64);
        let base: u64 = if chain_head >= window {
            chain_head - window
        } else {
            0
        };
        if base >= creation_block {
            base
        } else {
            creation_block
        }
    } else {
        #[verifier::truncate]
        let lb: u64 = match last_block {
            Some(b) => b as u64,
            None => creation_block,
        };
        lb + 1
    }
}

/// The bytes of `wss://`.
pub open spec fn spec_wss_prefix() -> Seq<u8> {
    seq![0x77u8, 0x73, 0x73, 0x3a, 0x2f, 0x2f]
}

/// The bytes of `ws://`.
pub open spec fn spec_ws_prefix() -> Seq<u8> {
    seq![0x77u8, 0x73, 0x3a, 0x2f, 0x2f]
}

/// The bytes of `https://`.
pub open spec fn spec_https_prefix() -> Seq<u8> {
    seq![0x68u8, 0x74, 0x74, 0x70, 0x73, 0x3a, 0x2f, 0x2f]
}

/// The bytes of `http://`.
pub open spec fn spec_http_prefix() -> Seq<u8> {
    seq![0x68u8, 0x74, 0x74, 0x70, 0x3a, 0x2f, 0x2f]
}

/// The HTTP endpoint derived from a WebSocket endpoint: `wss` becomes
/// `https`, `ws` becomes `http`, anything else stays as it is.
pub open spec fn spec_derive_http_url(ws: Seq<u8>) -> Seq<u8> {
    if ws.len() >= 6 && ws.subrange(0, 6) == spec_wss_prefix() {
        spec_https_prefix() + ws.subrange(6, ws.len() as int)
    } else if ws.len() >= 5 && ws.subrange(0, 5) == spec_ws_prefix() {
        spec_http_prefix() + ws.subrange(5, ws.len() as int)
    } else {
        ws
    }
}

/// Whether `v` starts with `prefix`.
fn has_prefix(v: &Vec<u8>, prefix: &Vec<u8>) -> (r: bool)
    ensures
        r == (v@.len() >= prefix@.len() && v@.subrange(0, prefix@.len() as int) == prefix@),
{
    if v.len() < prefix.len() {
        return false;
    }
    let mut i: usize = 0;
    while i < prefix.len()
        invariant
            prefix@.len() <= v@.len(),
            i <= prefix@.len(),
            forall|k: int| 0 <= k < i ==> v@[k] == prefix@[k],
        decreases prefix@.len() - i,
    {
        if v[i] != prefix[i] {
            assert(v@[i as int] != prefix@[i as int]);
            assert(v@.subrange(0, prefix@.len() as int)[i as int] == v@[i as int]);
            return false;
        }
        i += 1;
    }
    proof {
        assert(v@.subrange(0, prefix@.len() as int) =~= prefix@);
    }
    true
}

/// Append `count` bytes of `src` starting at `from`.
fn extend_from(out: &mut Vec<u8>, src: &Vec<u8>, from: usize)
    requires
        from <= src@.len(),
    ensures
        final(out)@ == old(out)@ + src@.subrange(from as int, src@.len() as int),
{
    let n: usize = src.len();
    let ghost base = out@;
    let mut i: usize = from;
    while i < n
        invariant
            from <= i <= n,
            n == src@.len(),
            out@ == base + src@.subrange(from as int, i as int),
        decreases n - i,
    {
        out.push(src[i]);
        proof {
            assert(base + src@.subrange(from as int, i + 1) =~= (base + src@.subrange(
                from as int,
                i as int,
            )).push(src@[i as int]));
        }
        i += 1;
    }
    proof {
        assert(out@ =~= base + src@.subrange(from as int, src@.len() as int));
    }
}

/// Derive the HTTP endpoint from the WebSocket endpoint, as
/// [`spec_derive_http_url`] describes, over the endpoint's bytes.
pub fn derive_http_url(ws: &Vec<u8>) -> (r: Vec<u8>)
    ensures
        r@ == spec_derive_http_url(ws@),
{
    let wss_prefix: Vec<u8> = vec![0x77u8, 0x73, 0x73, 0x3a, 0x2f, 0x2f];
    let ws_prefix: Vec<u8> = vec![0x77u8, 0x73, 0x3a, 0x2f, 0x2f];
    proof {
        assert(wss_prefix@ =~= spec_wss_prefix());
        assert(ws_prefix@ =~= spec_ws_prefix());
    }
    if has_prefix(ws, &wss_prefix) {
        let mut out: Vec<u8> = vec![0x68u8, 0x74, 0x74, 0x70, 0x73, 0x3a, 0x2f, 0x2f];
        proof {
            assert(out@ =~= spec_https_prefix());
        }
        extend_from(&mut out, ws, 6);
        out
    } else if has_prefix(ws, &ws_prefix) {
        let mut out: Vec<u8> = vec![0x68u8, 0x74, 0x74, 0x70, 0x3a, 0x2f, 0x2f];
        proof {
            assert(out@ =~= spec_http_prefix());
        }
        extend_from(&mut out, ws, 5);
        out
    } else {
        let mut out: Vec<u8> = Vec::new();
        extend_from(&mut out, ws, 0);
        proof {
            assert(ws@.subrange(0, ws@.len() as int) =~= ws@);
            assert(out@ =~= ws@);
        }
        out
    }
}

} // verus!
