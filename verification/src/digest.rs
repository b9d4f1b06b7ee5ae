//! Deterministic fingerprints.
//!
//! A request digest identifies a request's content, so that conflicting
//! proposals for the same slot can be told apart; a state digest fingerprints
//! the whole executed history, so that checkpoints can be compared across
//! replicas.  Both are 64-bit multiply-and-add folds: deterministic functions
//! of their input alone.

use vstd::prelude::*;

use crate::messages::Request;

verus! {

/// Multiplier of the fingerprint fold.
pub const MIX_FACTOR: u64 = 0x100000001b3;

/// Fingerprint of the empty history, and seed of every fold.
pub const DIGEST_SEED: u64 = 0xcbf29ce484222325;

/// One fold step: absorb `x` into the running fingerprint `h`.
pub open spec fn mix(h: u64, x: u64) -> u64 {
    h.wrapping_mul(MIX_FACTOR).wrapping_add(x)
}

/// Fingerprint of a request's content.
pub open spec fn request_digest_spec(r: Request) -> u64 {
    mix(mix(mix(DIGEST_SEED, r.client), r.op), r.timestamp)
}

/// Fingerprint of an executed history, given as the request digests in
/// execution order.
pub open spec fn state_digest_spec(ds: Seq<u64>) -> u64
    decreases ds.len(),
{
    if ds.len() == 0 {
        DIGEST_SEED
    } else {
        mix(state_digest_spec(ds.drop_last()), ds.last())
    }
}

/// Compute the fingerprint of a request's content.
pub fn request_digest(r: &Request) -> (d: u64)
    ensures
        d == request_digest_spec(*r),
{
    DIGEST_SEED
        .wrapping_mul(MIX_FACTOR).wrapping_add(r.client)
        .wrapping_mul(MIX_FACTOR).wrapping_add(r.op)
        .wrapping_mul(MIX_FACTOR).wrapping_add(r.timestamp)
}

/// Compute the state fingerprint of an executed history.
pub fn state_digest(ds: &Vec<u64>) -> (d: u64)
    ensures
        d == state_digest_spec(ds@),
{
    let mut acc: u64 = DIGEST_SEED;
    let mut i: usize = 0;
    while i < ds.len()
        invariant
            0 <= i <= ds@.len(),
            acc == state_digest_spec(ds@.take(i as int)),
        decreases ds@.len() - i,
    {
        proof {
            assert(ds@.take(i + 1).drop_last() =~= ds@.take(i as int));
            assert(ds@.take(i + 1).last() == ds@[i as int]);
        }
        acc = acc.wrapping_mul(MIX_FACTOR).wrapping_add(ds[i]);
        i = i + 1;
    }
    proof {
        assert(ds@.take(ds@.len() as int) =~= ds@);
    }
    acc
}

} // verus!
