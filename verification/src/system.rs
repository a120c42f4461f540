//! What the library takes from the machine it runs on: the wall clock, fresh
//! identifiers and random numbers. Nothing here is proved; each contract states what the
//! called crate documents for every outcome.

use vstd::prelude::*;

verus! {

/// Reads the wall clock with `chrono::Utc::now` and returns
/// `DateTime::timestamp`, the whole seconds since the Unix epoch. The value
/// depends on when the call is made, so nothing is promised of it. `chrono`
/// stops the process if the system clock is set before the epoch.
#[verifier::external_body]
pub(crate) fn now_seconds() -> (now: u64) {
    chrono::Utc::now().timestamp() as u64
}

/// Draws a random identifier with `uuid::Uuid::new_v4` and formats it with
/// the `Display` impl of `Uuid`, the hyphenated lower-case form, which is always
/// 36 characters long. Which identifier comes out is left open.
#[verifier::external_body]
pub(crate) fn fresh_node_id() -> (id: String)
    ensures
        id@.len() == 36,
{
    uuid::Uuid::new_v4().to_string()
}

/// Draws a number below `bound` with `rand::Rng::gen_range` on the thread's
/// generator, `rand::thread_rng`. The range `0..bound` is sampled, so the
/// number is less than `bound`; which one comes out is left open. `rand`
/// refuses an empty range, so `bound` is positive.
#[verifier::external_body]
pub(crate) fn random_below(bound: u64) -> (value: u64)
    requires
        bound > 0,
    ensures
        value < bound,
{
    rand::Rng::gen_range(&mut rand::thread_rng(), 0..bound)
}

} // verus!
