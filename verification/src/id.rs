//! Source of fresh identifier bits.

use vstd::prelude::*;

verus! {

/// Relies on `uuid::Uuid::new_v4` (via `Uuid::as_u128`): a version-4 UUID is
/// drawn from the process's random source. The result depends on that source,
/// so nothing is assumed of the returned bits: callers must handle any value,
/// including one that collides with an identifier already in use.
#[verifier::external_body]
pub(crate) fn random_id_bits() -> u128 {
    uuid::Uuid::new_v4().as_u128()
}

} // verus!
