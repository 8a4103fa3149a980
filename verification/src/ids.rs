//! Fresh schedule identifiers.

use crate::interval::ScheduleId;
use vstd::prelude::*;

verus! {

/// A new identifier from `uuid::Uuid::now_v7`, as the 128-bit number that
/// `Uuid::as_u128` gives for it. The value comes from the clock and a random
/// source, so nothing is claimed of it: not even that it differs from the
/// one before.
#[verifier::external_body]
pub(crate) fn fresh_id() -> (id: ScheduleId) {
    uuid::Uuid::now_v7().as_u128()
}

} // verus!
