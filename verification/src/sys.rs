//! The two points where the engine touches the outside world: minting fresh
//! identifiers and reading the wall clock. Nothing is assumed of either
//! result beyond its type, so every caller is verified for every outcome.

use vstd::prelude::*;

use crate::types::Timestamp;

verus! {

/// Relies on `uuid::Uuid::new_v4` (and `as_u128` to read its 128 bits): a
/// freshly generated random identifier. Nothing is promised of the value.
#[verifier::external_body]
pub(crate) fn fresh_id() -> u128 {
    uuid::Uuid::new_v4().as_u128()
}

/// Relies on `std::time::SystemTime::now` and
/// `SystemTime::duration_since(UNIX_EPOCH)`: the milliseconds elapsed since
/// the epoch, or, on the error side, the milliseconds the clock stands before
/// it. Nothing is promised of the value.
#[verifier::external_body]
pub(crate) fn now_timestamp() -> Timestamp {
    match std::time::SystemTime::now().duration_since(std::time::UNIX_EPOCH) {
        Ok(d) => Timestamp { before_epoch: false, millis: d.as_millis() },
        Err(e) => Timestamp { before_epoch: true, millis: e.duration().as_millis() },
    }
}

} // verus!
