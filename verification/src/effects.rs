//! Ambient effects the protocol needs from outside: fresh identifiers and
//! the current time. Both depend on the machine, so nothing is promised of
//! their values; every caller states what holds whatever comes back.

use vstd::prelude::*;

verus! {

/// Relies on uuid::Uuid::new_v4: a freshly generated random identifier,
/// carried as its 128-bit value. Nothing is promised of the value.
#[verifier::external_body]
pub fn fresh_id() -> u128 {
    uuid::Uuid::new_v4().as_u128()
}

/// Relies on chrono::Utc::now: the current wall-clock time in milliseconds
/// since the epoch. Nothing is promised of the value.
#[verifier::external_body]
pub fn now_millis() -> i64 {
    chrono::Utc::now().timestamp_millis()
}

} // verus!
